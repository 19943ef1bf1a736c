//! The adversarial search family: plain minimax, negamax, alpha-beta-pruned
//! negamax, and node-count accounting for the pruning bound.
//!
//! All algorithms share one evaluation (`board_score`) and one move
//! generator (`legal_moves_spec`), and use one canonical base rule: a node
//! is a leaf when the depth budget is zero or the position is terminal, and
//! a side with no legal moves falls back to the static evaluation of the
//! node (no pass is modeled). White maximizes the evaluation, Black
//! minimizes it; in the negamax formulation `sign == 1` means White to
//! move and `sign == -1` Black, and the returned value is from the side to
//! move's own perspective.

use vstd::math::max;
use vstd::math::min;
use vstd::prelude::*;

use crate::board::BOARD_SIZE;
use crate::board::CELL_COUNT;
use crate::board::Color;
use crate::board::Position;
use crate::board::State;
use crate::board::board_score;
use crate::board::board_wf;
use crate::board::board_with;
use crate::board::growable_pos;
use crate::board::in_range;
use crate::board::is_terminal_spec;
use crate::board::legal_moves_spec;
use crate::board::lemma_board_score_bounds;
use crate::board::lemma_legal_moves_characterization;
use crate::board::pos_index;

verus! {

/// Lower pruning bound of every root alpha-beta call: strictly below any
/// reachable evaluation.
pub const MIN_SCORE: i32 = -1000;

/// Upper pruning bound of every root alpha-beta call: strictly above any
/// reachable evaluation.
pub const MAX_SCORE: i32 = 1000;

/// The side to move under the negamax sign convention.
pub open spec fn color_of_sign(sign: int) -> Color {
    if sign == 1 {
        Color::White
    } else {
        Color::Black
    }
}

/// The side to move of the minimax formulation.
pub open spec fn color_of_turn(maximizing: bool) -> Color {
    if maximizing {
        Color::White
    } else {
        Color::Black
    }
}

/// Maximum when maximizing, minimum when minimizing.
pub open spec fn better_of(maximizing: bool, x: int, y: int) -> int {
    if maximizing {
        max(x, y)
    } else {
        min(x, y)
    }
}

/// Value of plain minimax: the static evaluation at a leaf (depth
/// exhausted, terminal position, or side to move without a legal move),
/// else the best child value for the side to move.
pub open spec fn spec_minimax(b: Seq<Color>, depth: nat, maximizing: bool) -> int
    decreases depth, 1int, 0int,
{
    if depth == 0 || is_terminal_spec(b) {
        board_score(b)
    } else {
        let mvs = legal_moves_spec(b, color_of_turn(maximizing));
        if mvs.len() == 0 {
            board_score(b)
        } else {
            minimax_best(b, mvs, 0, (depth - 1) as nat, maximizing)
        }
    }
}

/// Best minimax value among the children reached by `mvs[i..]`, searched
/// to child depth `cdepth`.
pub open spec fn minimax_best(
    b: Seq<Color>,
    mvs: Seq<Position>,
    i: int,
    cdepth: nat,
    maximizing: bool,
) -> int
    decreases cdepth, 2int, mvs.len() - i,
{
    let child = spec_minimax(
        board_with(b, mvs[i], color_of_turn(maximizing)),
        cdepth,
        !maximizing,
    );
    if i >= mvs.len() - 1 {
        child
    } else {
        better_of(maximizing, child, minimax_best(b, mvs, i + 1, cdepth, maximizing))
    }
}

/// Value of negamax: `sign * evaluation` at a leaf, else the maximum over
/// the side to move's moves of the negated child value. The sign inversion
/// exploits the zero-sum structure so that one formula serves both sides.
pub open spec fn spec_negamax(b: Seq<Color>, depth: nat, sign: int) -> int
    decreases depth, 1int, 0int,
{
    if depth == 0 || is_terminal_spec(b) {
        sign * board_score(b)
    } else {
        let mvs = legal_moves_spec(b, color_of_sign(sign));
        if mvs.len() == 0 {
            sign * board_score(b)
        } else {
            negamax_best(b, mvs, 0, (depth - 1) as nat, sign)
        }
    }
}

/// Best negated child value among the children reached by `mvs[i..]`.
pub open spec fn negamax_best(
    b: Seq<Color>,
    mvs: Seq<Position>,
    i: int,
    cdepth: nat,
    sign: int,
) -> int
    decreases cdepth, 2int, mvs.len() - i,
{
    let child = -spec_negamax(board_with(b, mvs[i], color_of_sign(sign)), cdepth, -sign);
    if i >= mvs.len() - 1 {
        child
    } else {
        max(child, negamax_best(b, mvs, i + 1, cdepth, sign))
    }
}

/// Value of alpha-beta-pruned negamax, mirroring the pruned traversal
/// exactly: leaves as in `spec_negamax`, interior nodes by the fail-hard
/// window walk of `ab_loop`.
pub open spec fn spec_alphabeta(b: Seq<Color>, depth: nat, alpha: int, beta: int, sign: int) -> int
    decreases depth, 1int, 0int,
{
    if depth == 0 || is_terminal_spec(b) {
        sign * board_score(b)
    } else {
        let mvs = legal_moves_spec(b, color_of_sign(sign));
        if mvs.len() == 0 {
            sign * board_score(b)
        } else {
            ab_loop(b, mvs, 0, (depth - 1) as nat, alpha, beta, sign)
        }
    }
}

/// One step of the pruned walk over `mvs[i..]` with current bound `alpha`:
/// raise `alpha` to the negated child value, stop as soon as it reaches
/// `beta` (the cutoff), and return the final bound.
pub open spec fn ab_loop(
    b: Seq<Color>,
    mvs: Seq<Position>,
    i: int,
    cdepth: nat,
    alpha: int,
    beta: int,
    sign: int,
) -> int
    decreases cdepth, 2int, mvs.len() - i,
{
    if i < 0 || i >= mvs.len() {
        alpha
    } else {
        let a2 = max(
            alpha,
            -spec_alphabeta(board_with(b, mvs[i], color_of_sign(sign)), cdepth, -beta, -alpha, -sign),
        );
        if a2 >= beta {
            a2
        } else {
            ab_loop(b, mvs, i + 1, cdepth, a2, beta, sign)
        }
    }
}

/// The negamax value lies within the evaluation's range.
pub proof fn lemma_negamax_bounds(b: Seq<Color>, depth: nat, sign: int)
    requires
        board_wf(b),
        sign == 1 || sign == -1,
    ensures
        -(CELL_COUNT as int) <= spec_negamax(b, depth, sign) <= CELL_COUNT as int,
    decreases depth, 1int, 0int,
{
    lemma_board_score_bounds(b);
    if !(depth == 0 || is_terminal_spec(b)) {
        let mvs = legal_moves_spec(b, color_of_sign(sign));
        if mvs.len() != 0 {
            lemma_negamax_best_bounds(b, mvs, 0, (depth - 1) as nat, sign);
        }
    }
}

/// The move at index `i` of the legal-move list is on the board, so the
/// derived child board is well formed.
proof fn lemma_child_wf(b: Seq<Color>, mvs: Seq<Position>, i: int, color: Color)
    requires
        board_wf(b),
        mvs == legal_moves_spec(b, color),
        0 <= i < mvs.len(),
    ensures
        in_range(mvs[i].row as int, mvs[i].col as int),
        board_wf(board_with(b, mvs[i], color_of_sign(1))),
        board_wf(board_with(b, mvs[i], color_of_sign(-1))),
{
    lemma_legal_moves_characterization(b, color);
    assert(mvs.contains(mvs[i]));
    assert(growable_pos(b, mvs[i], color));
    assert(0 <= pos_index(mvs[i]) < CELL_COUNT as int);
}

proof fn lemma_negamax_best_bounds(b: Seq<Color>, mvs: Seq<Position>, i: int, cdepth: nat, sign: int)
    requires
        board_wf(b),
        sign == 1 || sign == -1,
        mvs == legal_moves_spec(b, color_of_sign(sign)),
        0 <= i < mvs.len(),
    ensures
        -(CELL_COUNT as int) <= negamax_best(b, mvs, i, cdepth, sign) <= CELL_COUNT as int,
    decreases cdepth, 2int, mvs.len() - i,
{
    lemma_child_wf(b, mvs, i, color_of_sign(sign));
    lemma_negamax_bounds(board_with(b, mvs[i], color_of_sign(sign)), cdepth, -sign);
    if i < mvs.len() - 1 {
        lemma_negamax_best_bounds(b, mvs, i + 1, cdepth, sign);
    }
}

/// Minimax and negamax agree: the negamax value is the minimax value of
/// the same position and depth, seen from the side to move (`sign == 1`
/// maximizing), so the two formulations rank positions identically.
pub proof fn lemma_negamax_minimax_agree(b: Seq<Color>, depth: nat, sign: int)
    requires
        board_wf(b),
        sign == 1 || sign == -1,
    ensures
        spec_negamax(b, depth, sign) == sign * spec_minimax(b, depth, sign == 1),
    decreases depth, 1int, 0int,
{
    if !(depth == 0 || is_terminal_spec(b)) {
        let mvs = legal_moves_spec(b, color_of_sign(sign));
        assert(color_of_sign(sign) == color_of_turn(sign == 1));
        if mvs.len() != 0 {
            lemma_best_agree(b, mvs, 0, (depth - 1) as nat, sign);
        }
    }
}

proof fn lemma_best_agree(b: Seq<Color>, mvs: Seq<Position>, i: int, cdepth: nat, sign: int)
    requires
        board_wf(b),
        sign == 1 || sign == -1,
        mvs == legal_moves_spec(b, color_of_sign(sign)),
        0 <= i < mvs.len(),
    ensures
        negamax_best(b, mvs, i, cdepth, sign) == sign * minimax_best(b, mvs, i, cdepth, sign == 1),
    decreases cdepth, 2int, mvs.len() - i,
{
    lemma_child_wf(b, mvs, i, color_of_sign(sign));
    let cb = board_with(b, mvs[i], color_of_sign(sign));
    assert(color_of_sign(sign) == color_of_turn(sign == 1));
    lemma_negamax_minimax_agree(cb, cdepth, -sign);
    assert((-sign == 1) == !(sign == 1));
    if i < mvs.len() - 1 {
        lemma_best_agree(b, mvs, i + 1, cdepth, sign);
    }
}

/// Fail-hard pruning bounds: the pruned value can overshoot the true
/// negamax value only outside the `(alpha, beta)` window — it never
/// exceeds `max(alpha, v)` and never falls below `min(beta, v)`.
pub proof fn lemma_alphabeta_negamax_bounds(
    b: Seq<Color>,
    depth: nat,
    alpha: int,
    beta: int,
    sign: int,
)
    requires
        board_wf(b),
        sign == 1 || sign == -1,
        alpha < beta,
    ensures
        spec_alphabeta(b, depth, alpha, beta, sign) <= max(alpha, spec_negamax(b, depth, sign)),
        spec_alphabeta(b, depth, alpha, beta, sign) >= min(beta, spec_negamax(b, depth, sign)),
    decreases depth, 1int, 0int,
{
    if !(depth == 0 || is_terminal_spec(b)) {
        let mvs = legal_moves_spec(b, color_of_sign(sign));
        if mvs.len() != 0 {
            lemma_ab_loop_bounds(b, mvs, 0, (depth - 1) as nat, alpha, beta, sign);
        }
    }
}

proof fn lemma_ab_loop_bounds(
    b: Seq<Color>,
    mvs: Seq<Position>,
    i: int,
    cdepth: nat,
    alpha: int,
    beta: int,
    sign: int,
)
    requires
        board_wf(b),
        sign == 1 || sign == -1,
        mvs == legal_moves_spec(b, color_of_sign(sign)),
        0 <= i < mvs.len(),
        alpha < beta,
    ensures
        ab_loop(b, mvs, i, cdepth, alpha, beta, sign) <= max(
            alpha,
            negamax_best(b, mvs, i, cdepth, sign),
        ),
        ab_loop(b, mvs, i, cdepth, alpha, beta, sign) >= min(
            beta,
            negamax_best(b, mvs, i, cdepth, sign),
        ),
        ab_loop(b, mvs, i, cdepth, alpha, beta, sign) >= alpha,
    decreases cdepth, 2int, mvs.len() - i,
{
    lemma_child_wf(b, mvs, i, color_of_sign(sign));
    let cb = board_with(b, mvs[i], color_of_sign(sign));
    let cv = spec_negamax(cb, cdepth, -sign);
    let rc = spec_alphabeta(cb, cdepth, -beta, -alpha, -sign);
    lemma_alphabeta_negamax_bounds(cb, cdepth, -beta, -alpha, -sign);
    assert(rc <= max(-beta, cv));
    assert(rc >= min(-alpha, cv));
    assert(-rc >= min(beta, -cv));
    assert(-rc <= max(alpha, -cv));
    let a2 = max(alpha, -rc);
    let nb = negamax_best(b, mvs, i, cdepth, sign);
    let res = ab_loop(b, mvs, i, cdepth, alpha, beta, sign);
    if i >= mvs.len() - 1 {
        assert(nb == -cv);
        if a2 >= beta {
            assert(res == a2);
        } else {
            assert(ab_loop(b, mvs, i + 1, cdepth, a2, beta, sign) == a2);
            assert(res == a2);
            assert(a2 >= min(beta, nb));
        }
        assert(res <= max(alpha, nb));
    } else {
        let nb2 = negamax_best(b, mvs, i + 1, cdepth, sign);
        assert(nb == max(-cv, nb2));
        if a2 >= beta {
            assert(res == a2);
            assert(res <= max(alpha, -cv));
            assert(res >= min(beta, nb));
        } else {
            lemma_ab_loop_bounds(b, mvs, i + 1, cdepth, a2, beta, sign);
            assert(res == ab_loop(b, mvs, i + 1, cdepth, a2, beta, sign));
            assert(res <= max(a2, nb2));
            assert(max(a2, nb2) <= max(max(alpha, -cv), nb2));
            assert(res >= min(beta, nb2));
            assert(res >= a2 && a2 >= -rc && -rc >= min(beta, -cv));
            assert(res >= min(beta, nb));
        }
    }
}

/// Pruning is score-preserving: with the full root window the pruned
/// search returns exactly the unpruned negamax value.
pub proof fn lemma_alphabeta_score_preserving(b: Seq<Color>, depth: nat, sign: int)
    requires
        board_wf(b),
        sign == 1 || sign == -1,
    ensures
        spec_alphabeta(b, depth, MIN_SCORE as int, MAX_SCORE as int, sign) == spec_negamax(
            b,
            depth,
            sign,
        ),
{
    lemma_negamax_bounds(b, depth, sign);
    lemma_alphabeta_negamax_bounds(b, depth, MIN_SCORE as int, MAX_SCORE as int, sign);
}

/// A depth-0 search of any position returns exactly the static evaluation
/// (from the side to move's perspective in the negamax formulations), with
/// no recursion: a single node is evaluated.
pub proof fn lemma_depth_zero_is_evaluation(
    b: Seq<Color>,
    maximizing: bool,
    alpha: int,
    beta: int,
    sign: int,
)
    ensures
        spec_minimax(b, 0, maximizing) == board_score(b),
        spec_negamax(b, 0, sign) == sign * board_score(b),
        spec_alphabeta(b, 0, alpha, beta, sign) == sign * board_score(b),
        negamax_nodes(b, 0, sign) == 1,
        ab_nodes(b, 0, alpha, beta, sign) == 1,
{
}

/// A side without a legal move does not end the game while the opponent
/// can still move: the position is not terminal, and instead of modeling a
/// pass the search returns the static evaluation at that ply.
pub proof fn lemma_no_moves_fallback(b: Seq<Color>, depth: nat, maximizing: bool)
    requires
        board_wf(b),
        legal_moves_spec(b, color_of_turn(maximizing)).len() == 0,
        legal_moves_spec(b, color_of_turn(!maximizing)).len() != 0,
    ensures
        !is_terminal_spec(b),
        spec_minimax(b, depth, maximizing) == board_score(b),
        spec_negamax(b, depth, if maximizing { 1int } else { -1int }) == (
        if maximizing {
            1int
        } else {
            -1int
        }) * board_score(b),
{
    assert(color_of_turn(maximizing) == color_of_sign(if maximizing { 1int } else { -1int }));
}

/// Number of nodes the unpruned negamax search evaluates: this node plus
/// every node of every expanded child.
pub open spec fn negamax_nodes(b: Seq<Color>, depth: nat, sign: int) -> int
    decreases depth, 1int, 0int,
{
    if depth == 0 || is_terminal_spec(b) {
        1
    } else {
        let mvs = legal_moves_spec(b, color_of_sign(sign));
        if mvs.len() == 0 {
            1
        } else {
            1 + negamax_nodes_sum(b, mvs, 0, (depth - 1) as nat, sign)
        }
    }
}

/// Combined node count of the children reached by `mvs[i..]`.
pub open spec fn negamax_nodes_sum(
    b: Seq<Color>,
    mvs: Seq<Position>,
    i: int,
    cdepth: nat,
    sign: int,
) -> int
    decreases cdepth, 2int, mvs.len() - i,
{
    if i < 0 || i >= mvs.len() {
        0
    } else {
        negamax_nodes(board_with(b, mvs[i], color_of_sign(sign)), cdepth, -sign)
            + negamax_nodes_sum(b, mvs, i + 1, cdepth, sign)
    }
}

/// Number of nodes the alpha-beta-pruned search evaluates: children after
/// a cutoff are never visited.
pub open spec fn ab_nodes(b: Seq<Color>, depth: nat, alpha: int, beta: int, sign: int) -> int
    decreases depth, 1int, 0int,
{
    if depth == 0 || is_terminal_spec(b) {
        1
    } else {
        let mvs = legal_moves_spec(b, color_of_sign(sign));
        if mvs.len() == 0 {
            1
        } else {
            1 + ab_loop_nodes(b, mvs, 0, (depth - 1) as nat, alpha, beta, sign)
        }
    }
}

/// Combined pruned node count of the children reached by `mvs[i..]` under
/// the evolving bound, stopping at the cutoff exactly as `ab_loop` does.
pub open spec fn ab_loop_nodes(
    b: Seq<Color>,
    mvs: Seq<Position>,
    i: int,
    cdepth: nat,
    alpha: int,
    beta: int,
    sign: int,
) -> int
    decreases cdepth, 2int, mvs.len() - i,
{
    if i < 0 || i >= mvs.len() {
        0
    } else {
        let cb = board_with(b, mvs[i], color_of_sign(sign));
        let cn = ab_nodes(cb, cdepth, -beta, -alpha, -sign);
        let a2 = max(alpha, -spec_alphabeta(cb, cdepth, -beta, -alpha, -sign));
        if a2 >= beta {
            cn
        } else {
            cn + ab_loop_nodes(b, mvs, i + 1, cdepth, a2, beta, sign)
        }
    }
}

proof fn lemma_negamax_nodes_pos(b: Seq<Color>, depth: nat, sign: int)
    ensures
        negamax_nodes(b, depth, sign) >= 1,
    decreases depth, 1int, 0int,
{
    if !(depth == 0 || is_terminal_spec(b)) {
        let mvs = legal_moves_spec(b, color_of_sign(sign));
        if mvs.len() != 0 {
            lemma_negamax_nodes_sum_nonneg(b, mvs, 0, (depth - 1) as nat, sign);
        }
    }
}

proof fn lemma_negamax_nodes_sum_nonneg(
    b: Seq<Color>,
    mvs: Seq<Position>,
    i: int,
    cdepth: nat,
    sign: int,
)
    ensures
        negamax_nodes_sum(b, mvs, i, cdepth, sign) >= 0,
    decreases cdepth, 2int, mvs.len() - i,
{
    if 0 <= i < mvs.len() {
        lemma_negamax_nodes_pos(board_with(b, mvs[i], color_of_sign(sign)), cdepth, -sign);
        lemma_negamax_nodes_sum_nonneg(b, mvs, i + 1, cdepth, sign);
    }
}

/// Pruning only ever discards work: the pruned search evaluates no more
/// nodes than the unpruned negamax search of the same position and depth.
pub proof fn lemma_pruning_visits_no_more(
    b: Seq<Color>,
    depth: nat,
    alpha: int,
    beta: int,
    sign: int,
)
    requires
        board_wf(b),
        sign == 1 || sign == -1,
        alpha < beta,
    ensures
        1 <= ab_nodes(b, depth, alpha, beta, sign),
        ab_nodes(b, depth, alpha, beta, sign) <= negamax_nodes(b, depth, sign),
    decreases depth, 1int, 0int,
{
    if !(depth == 0 || is_terminal_spec(b)) {
        let mvs = legal_moves_spec(b, color_of_sign(sign));
        if mvs.len() != 0 {
            lemma_ab_loop_nodes_le(b, mvs, 0, (depth - 1) as nat, alpha, beta, sign);
        }
    }
}

proof fn lemma_ab_loop_nodes_le(
    b: Seq<Color>,
    mvs: Seq<Position>,
    i: int,
    cdepth: nat,
    alpha: int,
    beta: int,
    sign: int,
)
    requires
        board_wf(b),
        sign == 1 || sign == -1,
        mvs == legal_moves_spec(b, color_of_sign(sign)),
        0 <= i <= mvs.len(),
        alpha < beta,
    ensures
        0 <= ab_loop_nodes(b, mvs, i, cdepth, alpha, beta, sign),
        ab_loop_nodes(b, mvs, i, cdepth, alpha, beta, sign) <= negamax_nodes_sum(
            b,
            mvs,
            i,
            cdepth,
            sign,
        ),
    decreases cdepth, 2int, mvs.len() - i,
{
    if i < mvs.len() {
        lemma_child_wf(b, mvs, i, color_of_sign(sign));
        let cb = board_with(b, mvs[i], color_of_sign(sign));
        lemma_pruning_visits_no_more(cb, cdepth, -beta, -alpha, -sign);
        lemma_negamax_nodes_sum_nonneg(b, mvs, i + 1, cdepth, sign);
        let a2 = max(alpha, -spec_alphabeta(cb, cdepth, -beta, -alpha, -sign));
        if a2 < beta {
            lemma_ab_loop_nodes_le(b, mvs, i + 1, cdepth, a2, beta, sign);
        }
    }
}

/// Crude tree-size bound: a node has at most `CELL_COUNT` children, so a
/// depth-`d` search evaluates fewer than `(CELL_COUNT + 1) ^ d` nodes.
pub open spec fn branch_pow(depth: nat) -> int
    decreases depth,
{
    if depth == 0 {
        1
    } else {
        (CELL_COUNT + 1) * branch_pow((depth - 1) as nat)
    }
}

proof fn lemma_branch_pow_pos(depth: nat)
    ensures
        branch_pow(depth) >= 1,
    decreases depth,
{
    if depth > 0 {
        lemma_branch_pow_pos((depth - 1) as nat);
        assert((CELL_COUNT + 1) * branch_pow((depth - 1) as nat) >= branch_pow(
            (depth - 1) as nat,
        )) by (nonlinear_arith)
            requires
                branch_pow((depth - 1) as nat) >= 1,
        ;
    }
}

proof fn lemma_branch_pow_mono(d1: nat, d2: nat)
    requires
        d1 <= d2,
    ensures
        branch_pow(d1) <= branch_pow(d2),
    decreases d2,
{
    if d1 < d2 {
        lemma_branch_pow_mono(d1, (d2 - 1) as nat);
        lemma_branch_pow_pos((d2 - 1) as nat);
        assert((CELL_COUNT + 1) * branch_pow((d2 - 1) as nat) >= branch_pow(
            (d2 - 1) as nat,
        )) by (nonlinear_arith)
            requires
                branch_pow((d2 - 1) as nat) >= 1,
        ;
    }
}

proof fn lemma_negamax_nodes_bound(b: Seq<Color>, depth: nat, sign: int)
    requires
        board_wf(b),
        sign == 1 || sign == -1,
    ensures
        1 <= negamax_nodes(b, depth, sign),
        negamax_nodes(b, depth, sign) <= branch_pow(depth),
    decreases depth, 1int, 0int,
{
    lemma_branch_pow_pos(depth);
    if !(depth == 0 || is_terminal_spec(b)) {
        let mvs = legal_moves_spec(b, color_of_sign(sign));
        if mvs.len() != 0 {
            let cdepth = (depth - 1) as nat;
            crate::board::lemma_legal_moves_len(b, color_of_sign(sign));
            lemma_negamax_nodes_sum_bound(b, mvs, 0, cdepth, sign);
            lemma_branch_pow_pos(cdepth);
            assert(mvs.len() * branch_pow(cdepth) <= (CELL_COUNT as int) * branch_pow(cdepth))
                by (nonlinear_arith)
                requires
                    0 <= mvs.len() <= CELL_COUNT as int,
                    branch_pow(cdepth) >= 1,
            ;
        }
    }
}

proof fn lemma_negamax_nodes_sum_bound(
    b: Seq<Color>,
    mvs: Seq<Position>,
    i: int,
    cdepth: nat,
    sign: int,
)
    requires
        board_wf(b),
        sign == 1 || sign == -1,
        mvs == legal_moves_spec(b, color_of_sign(sign)),
        0 <= i <= mvs.len(),
    ensures
        0 <= negamax_nodes_sum(b, mvs, i, cdepth, sign),
        negamax_nodes_sum(b, mvs, i, cdepth, sign) <= (mvs.len() - i) * branch_pow(cdepth),
    decreases cdepth, 2int, mvs.len() - i,
{
    if i >= mvs.len() {
        assert((mvs.len() - i) * branch_pow(cdepth) == 0) by (nonlinear_arith)
            requires
                mvs.len() - i == 0,
        ;
    } else {
        lemma_child_wf(b, mvs, i, color_of_sign(sign));
        let cb = board_with(b, mvs[i], color_of_sign(sign));
        lemma_negamax_nodes_bound(cb, cdepth, -sign);
        lemma_negamax_nodes_sum_bound(b, mvs, i + 1, cdepth, sign);
        assert(branch_pow(cdepth) + (mvs.len() - i - 1) * branch_pow(cdepth) == (mvs.len() - i)
            * branch_pow(cdepth)) by (nonlinear_arith);
    }
}

/// A search node: a thin owned wrapper around one board state. Nodes are
/// created per recursive step and never outlive it; sibling branches never
/// share a node.
pub struct Node {
    pub state: State,
}

impl View for Node {
    type V = Seq<Color>;

    open spec fn view(&self) -> Seq<Color> {
        self.state@
    }
}

impl Node {
    pub open spec fn wf(&self) -> bool {
        self.state.wf()
    }

    /// Wrap one board state.
    pub fn from_state(state: State) -> (n: Node)
        requires
            state.wf(),
        ensures
            n.wf(),
            n@ == state@,
    {
        Node { state }
    }

    /// The node reached by playing `color` at `pos`; `self` is unmodified.
    pub fn with(&self, pos: Position, color: Color) -> (n: Node)
        requires
            self.wf(),
            pos.row < BOARD_SIZE,
            pos.col < BOARD_SIZE,
        ensures
            n.wf(),
            n@ == board_with(self@, pos, color),
    {
        Node { state: self.state.with(pos, color) }
    }

    /// Human-readable rendering of this node's position.
    pub fn render(&self) -> (r: String)
        requires
            self.wf(),
        ensures
            r@ == crate::board::render_spec(self@),
    {
        self.state.render()
    }

    /// The static evaluation of this node's position.
    pub fn cost(&self) -> (r: i32)
        requires
            self.wf(),
        ensures
            r as int == board_score(self@),
            -(CELL_COUNT as int) <= r as int <= CELL_COUNT as int,
    {
        self.state.evaluate()
    }

    /// Plain minimax to the given depth: maximize White's evaluation on
    /// White's plies, minimize it on Black's.
    pub fn minimax(&self, depth: u16, maximizing: bool) -> (r: i32)
        requires
            self.wf(),
        ensures
            r as int == spec_minimax(self@, depth as nat, maximizing),
            -(CELL_COUNT as int) <= r as int <= CELL_COUNT as int,
        decreases depth,
    {
        if depth == 0 || self.state.is_terminal() {
            return self.cost();
        }
        let color = if maximizing {
            Color::White
        } else {
            Color::Black
        };
        let moves = self.state.legal_moves(color);
        if moves.len() == 0 {
            return self.cost();
        }
        proof {
            lemma_legal_moves_characterization(self@, color);
            assert(legal_moves_spec(self@, color).contains(moves@[0]));
        }
        let ghost cdepth = (depth - 1) as nat;
        let child = self.with(moves[0], color);
        let mut best = child.minimax(depth - 1, !maximizing);
        let mut i: usize = 1;
        while i < moves.len()
            invariant
                self.wf(),
                1 <= i <= moves@.len(),
                depth >= 1,
                moves@ == legal_moves_spec(self@, color),
                color == color_of_turn(maximizing),
                cdepth == (depth - 1) as nat,
                -(CELL_COUNT as int) <= best as int <= CELL_COUNT as int,
                i < moves@.len() ==> better_of(
                    maximizing,
                    best as int,
                    minimax_best(self@, moves@, i as int, cdepth, maximizing),
                ) == minimax_best(self@, moves@, 0, cdepth, maximizing),
                i == moves@.len() ==> best as int == minimax_best(self@, moves@, 0, cdepth, maximizing),
            decreases moves@.len() - i,
        {
            proof {
                lemma_legal_moves_characterization(self@, color);
                assert(legal_moves_spec(self@, color).contains(moves@[i as int]));
                assert(growable_pos(self@, moves@[i as int], color));
            }
            let child = self.with(moves[i], color);
            let v = child.minimax(depth - 1, !maximizing);
            if maximizing {
                if v > best {
                    best = v;
                }
            } else {
                if v < best {
                    best = v;
                }
            }
            i = i + 1;
        }
        best
    }

    /// Negamax to the given depth: the same search as `minimax`, expressed
    /// with the sign convention, so that the result is from the side to
    /// move's perspective.
    pub fn negamax(&self, depth: u16, sign: i8) -> (r: i32)
        requires
            self.wf(),
            sign == 1 || sign == -1,
        ensures
            r as int == spec_negamax(self@, depth as nat, sign as int),
            -(CELL_COUNT as int) <= r as int <= CELL_COUNT as int,
        decreases depth,
    {
        if depth == 0 || self.state.is_terminal() {
            let e = self.cost();
            return if sign == 1 {
                e
            } else {
                -e
            };
        }
        let color = if sign == 1 {
            Color::White
        } else {
            Color::Black
        };
        let moves = self.state.legal_moves(color);
        if moves.len() == 0 {
            let e = self.cost();
            return if sign == 1 {
                e
            } else {
                -e
            };
        }
        proof {
            lemma_legal_moves_characterization(self@, color);
            assert(legal_moves_spec(self@, color).contains(moves@[0]));
        }
        let ghost cdepth = (depth - 1) as nat;
        let child = self.with(moves[0], color);
        let mut best = -child.negamax(depth - 1, -sign);
        let mut i: usize = 1;
        while i < moves.len()
            invariant
                self.wf(),
                1 <= i <= moves@.len(),
                depth >= 1,
                sign == 1 || sign == -1,
                moves@ == legal_moves_spec(self@, color),
                color == color_of_sign(sign as int),
                cdepth == (depth - 1) as nat,
                -(CELL_COUNT as int) <= best as int <= CELL_COUNT as int,
                i < moves@.len() ==> max(
                    best as int,
                    negamax_best(self@, moves@, i as int, cdepth, sign as int),
                ) == negamax_best(self@, moves@, 0, cdepth, sign as int),
                i == moves@.len() ==> best as int == negamax_best(
                    self@,
                    moves@,
                    0,
                    cdepth,
                    sign as int,
                ),
            decreases moves@.len() - i,
        {
            proof {
                lemma_legal_moves_characterization(self@, color);
                assert(legal_moves_spec(self@, color).contains(moves@[i as int]));
                assert(growable_pos(self@, moves@[i as int], color));
            }
            let child = self.with(moves[i], color);
            let v = -child.negamax(depth - 1, -sign);
            if v > best {
                best = v;
            }
            i = i + 1;
        }
        best
    }

    /// Alpha-beta-pruned negamax: the same recursion as `negamax`, but a
    /// branch is abandoned as soon as its bound proves it cannot improve
    /// the outcome. With the full root window `(MIN_SCORE, MAX_SCORE)` the
    /// returned score equals the unpruned negamax value
    /// (`lemma_alphabeta_score_preserving`).
    pub fn abnegamax(&self, depth: u16, alpha: i32, beta: i32, sign: i8) -> (r: i32)
        requires
            self.wf(),
            sign == 1 || sign == -1,
            MIN_SCORE as int <= alpha as int,
            (alpha as int) < beta as int,
            beta as int <= MAX_SCORE as int,
        ensures
            r as int == spec_alphabeta(self@, depth as nat, alpha as int, beta as int, sign as int),
            MIN_SCORE as int <= r as int <= MAX_SCORE as int,
        decreases depth,
    {
        if depth == 0 || self.state.is_terminal() {
            let e = self.cost();
            return if sign == 1 {
                e
            } else {
                -e
            };
        }
        let color = if sign == 1 {
            Color::White
        } else {
            Color::Black
        };
        let moves = self.state.legal_moves(color);
        if moves.len() == 0 {
            let e = self.cost();
            return if sign == 1 {
                e
            } else {
                -e
            };
        }
        let ghost cdepth = (depth - 1) as nat;
        let mut a = alpha;
        let mut i: usize = 0;
        while i < moves.len()
            invariant
                self.wf(),
                sign == 1 || sign == -1,
                depth >= 1,
                cdepth == (depth - 1) as nat,
                !is_terminal_spec(self@),
                moves@ == legal_moves_spec(self@, color),
                moves@.len() >= 1,
                color == color_of_sign(sign as int),
                0 <= i <= moves@.len(),
                MIN_SCORE as int <= a as int,
                (a as int) < beta as int,
                beta as int <= MAX_SCORE as int,
                ab_loop(self@, moves@, i as int, cdepth, a as int, beta as int, sign as int)
                    == ab_loop(self@, moves@, 0, cdepth, alpha as int, beta as int, sign as int),
            decreases moves@.len() - i,
        {
            proof {
                lemma_legal_moves_characterization(self@, color);
                assert(legal_moves_spec(self@, color).contains(moves@[i as int]));
                assert(growable_pos(self@, moves@[i as int], color));
            }
            let ghost a_old = a as int;
            let child = self.with(moves[i], color);
            let rc = child.abnegamax(depth - 1, -beta, -a, -sign);
            let na = -rc;
            if na > a {
                a = na;
            }
            assert(a as int == max(
                a_old,
                -spec_alphabeta(
                    board_with(self@, moves@[i as int], color_of_sign(sign as int)),
                    cdepth,
                    -(beta as int),
                    -a_old,
                    -(sign as int),
                ),
            ));
            i = i + 1;
            if a >= beta {
                assert(ab_loop(
                    self@,
                    moves@,
                    i - 1,
                    cdepth,
                    a_old,
                    beta as int,
                    sign as int,
                ) == a as int);
                return a;
            }
        }
        a
    }

    /// Number of nodes `negamax` evaluates at this depth. The depth cap
    /// keeps the crude `(CELL_COUNT + 1) ^ depth` tree-size bound within
    /// `u64`.
    pub fn negamax_node_count(&self, depth: u16, sign: i8) -> (r: u64)
        requires
            self.wf(),
            sign == 1 || sign == -1,
            depth <= 9,
        ensures
            r as int == negamax_nodes(self@, depth as nat, sign as int),
        decreases depth,
    {
        proof {
            lemma_negamax_nodes_bound(self@, depth as nat, sign as int);
            lemma_branch_pow_mono(depth as nat, 9);
            reveal_with_fuel(branch_pow, 10);
            assert(branch_pow(9) < u64::MAX as int);
        }
        if depth == 0 || self.state.is_terminal() {
            return 1;
        }
        let color = if sign == 1 {
            Color::White
        } else {
            Color::Black
        };
        let moves = self.state.legal_moves(color);
        if moves.len() == 0 {
            return 1;
        }
        let ghost cdepth = (depth - 1) as nat;
        let ghost total_sum = negamax_nodes_sum(self@, moves@, 0, cdepth, sign as int);
        let mut total: u64 = 0;
        let mut i: usize = 0;
        while i < moves.len()
            invariant
                self.wf(),
                sign == 1 || sign == -1,
                1 <= depth <= 9,
                cdepth == (depth - 1) as nat,
                moves@ == legal_moves_spec(self@, color),
                color == color_of_sign(sign as int),
                0 <= i <= moves@.len(),
                total_sum == negamax_nodes_sum(self@, moves@, 0, cdepth, sign as int),
                total_sum < u64::MAX as int,
                total as int + negamax_nodes_sum(self@, moves@, i as int, cdepth, sign as int)
                    == total_sum,
                total as int <= total_sum,
            decreases moves@.len() - i,
        {
            proof {
                lemma_legal_moves_characterization(self@, color);
                assert(legal_moves_spec(self@, color).contains(moves@[i as int]));
                assert(growable_pos(self@, moves@[i as int], color));
            }
            let child = self.with(moves[i], color);
            let c = child.negamax_node_count(depth - 1, -sign);
            proof {
                lemma_negamax_nodes_sum_nonneg(self@, moves@, i as int + 1, cdepth, sign as int);
            }
            total = total + c;
            i = i + 1;
        }
        1 + total
    }

    /// Number of nodes `abnegamax` evaluates at this depth, together with
    /// its score. The pruned count never exceeds `negamax_node_count` of
    /// the same position and depth (`lemma_pruning_visits_no_more`).
    pub fn abnegamax_node_count(&self, depth: u16, alpha: i32, beta: i32, sign: i8) -> (r: (
        i32,
        u64,
    ))
        requires
            self.wf(),
            sign == 1 || sign == -1,
            MIN_SCORE as int <= alpha as int,
            (alpha as int) < beta as int,
            beta as int <= MAX_SCORE as int,
            depth <= 9,
        ensures
            r.0 as int == spec_alphabeta(self@, depth as nat, alpha as int, beta as int, sign as int),
            r.1 as int == ab_nodes(self@, depth as nat, alpha as int, beta as int, sign as int),
            MIN_SCORE as int <= r.0 as int <= MAX_SCORE as int,
        decreases depth,
    {
        proof {
            lemma_pruning_visits_no_more(
                self@,
                depth as nat,
                alpha as int,
                beta as int,
                sign as int,
            );
            lemma_negamax_nodes_bound(self@, depth as nat, sign as int);
            lemma_branch_pow_mono(depth as nat, 9);
            reveal_with_fuel(branch_pow, 10);
            assert(branch_pow(9) < u64::MAX as int);
        }
        if depth == 0 || self.state.is_terminal() {
            let e = self.cost();
            return (
                if sign == 1 {
                    e
                } else {
                    -e
                },
                1,
            );
        }
        let color = if sign == 1 {
            Color::White
        } else {
            Color::Black
        };
        let moves = self.state.legal_moves(color);
        if moves.len() == 0 {
            let e = self.cost();
            return (
                if sign == 1 {
                    e
                } else {
                    -e
                },
                1,
            );
        }
        let ghost cdepth = (depth - 1) as nat;
        let ghost loop_total = ab_loop_nodes(
            self@,
            moves@,
            0,
            cdepth,
            alpha as int,
            beta as int,
            sign as int,
        );
        let mut a = alpha;
        let mut count: u64 = 0;
        let mut i: usize = 0;
        while i < moves.len()
            invariant
                self.wf(),
                sign == 1 || sign == -1,
                1 <= depth <= 9,
                cdepth == (depth - 1) as nat,
                !is_terminal_spec(self@),
                moves@ == legal_moves_spec(self@, color),
                moves@.len() >= 1,
                color == color_of_sign(sign as int),
                0 <= i <= moves@.len(),
                MIN_SCORE as int <= a as int,
                (a as int) < beta as int,
                beta as int <= MAX_SCORE as int,
                ab_loop(self@, moves@, i as int, cdepth, a as int, beta as int, sign as int)
                    == ab_loop(self@, moves@, 0, cdepth, alpha as int, beta as int, sign as int),
                loop_total == ab_loop_nodes(
                    self@,
                    moves@,
                    0,
                    cdepth,
                    alpha as int,
                    beta as int,
                    sign as int,
                ),
                loop_total < u64::MAX as int,
                count as int + ab_loop_nodes(
                    self@,
                    moves@,
                    i as int,
                    cdepth,
                    a as int,
                    beta as int,
                    sign as int,
                ) == loop_total,
                count as int <= loop_total,
            decreases moves@.len() - i,
        {
            proof {
                lemma_legal_moves_characterization(self@, color);
                assert(legal_moves_spec(self@, color).contains(moves@[i as int]));
                assert(growable_pos(self@, moves@[i as int], color));
            }
            let ghost a_old = a as int;
            let child = self.with(moves[i], color);
            let pair = child.abnegamax_node_count(depth - 1, -beta, -a, -sign);
            let rc = pair.0;
            let cn = pair.1;
            let na = -rc;
            if na > a {
                a = na;
            }
            let ghost a2 = max(
                a_old,
                -spec_alphabeta(
                    board_with(self@, moves@[i as int], color_of_sign(sign as int)),
                    cdepth,
                    -(beta as int),
                    -a_old,
                    -(sign as int),
                ),
            );
            proof {
                assert(a as int == a2);
                if a2 < beta as int {
                    lemma_ab_loop_nodes_le(
                        self@,
                        moves@,
                        i as int + 1,
                        cdepth,
                        a2,
                        beta as int,
                        sign as int,
                    );
                }
            }
            count = count + cn;
            i = i + 1;
            if a >= beta {
                assert(ab_loop(
                    self@,
                    moves@,
                    i - 1,
                    cdepth,
                    a_old,
                    beta as int,
                    sign as int,
                ) == a as int);
                assert(count as int == loop_total);
                return (a, 1 + count);
            }
        }
        (a, 1 + count)
    }
}

} // verus!

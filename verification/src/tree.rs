//! The fully materialized tree variant: build the game tree of
//! (move, child) pairs down to a fixed depth, labeling each ply by whose
//! turn it is, then run minimax over the materialized tree and sort the
//! root's children by value. This trades memory for avoiding
//! recomputation of child states across evaluation passes; it produces
//! exactly the ranking of the non-materialized search.
//!
//! Each child is owned solely by its parent — a plain tree, never a
//! shared graph — so ordinary recursive ownership suffices.

use vstd::prelude::*;

use crate::board::CELL_COUNT;
use crate::board::Color;
use crate::board::Position;
use crate::board::State;
use crate::board::board_with;
use crate::board::is_terminal_spec;
use crate::board::legal_moves_spec;
use crate::board::lemma_legal_moves_characterization;
use crate::rank::ranking_spec;
use crate::search::better_of;
use crate::search::color_of_turn;
use crate::search::lemma_negamax_minimax_agree;
use crate::search::minimax_best;
use crate::search::spec_minimax;

verus! {

/// One materialized node: a position and its fully expanded children,
/// one per legal move of the side whose ply this is.
pub struct Tree {
    pub state: State,
    pub children: Vec<(Position, Tree)>,
}

/// The tree under `t` materializes the game tree of `b` to `depth` plies
/// with `maximizing` (White) to move: a leaf where the search would stop,
/// else one child per legal move, in move-generator order, each itself
/// materialized one ply shallower for the other side.
pub open spec fn tree_wf(t: Tree, b: Seq<Color>, depth: nat, maximizing: bool) -> bool
    decreases depth,
{
    &&& t.state.wf()
    &&& t.state@ == b
    &&& if depth == 0 || is_terminal_spec(b) {
        t.children@.len() == 0
    } else {
        let mvs = legal_moves_spec(b, color_of_turn(maximizing));
        &&& t.children@.len() == mvs.len()
        &&& forall|i: int|
            0 <= i < mvs.len() ==> (#[trigger] t.children@[i]).0 == mvs[i] && tree_wf(
                t.children@[i].1,
                board_with(b, mvs[i], color_of_turn(maximizing)),
                (depth - 1) as nat,
                !maximizing,
            )
    }
}

impl Tree {
    /// Materialize the game tree of `state` down to `depth` plies, the
    /// ply of `maximizing` first and turns alternating below.
    pub fn build(state: State, depth: u16, maximizing: bool) -> (t: Tree)
        requires
            state.wf(),
        ensures
            tree_wf(t, state@, depth as nat, maximizing),
        decreases depth,
    {
        if depth == 0 || state.is_terminal() {
            return Tree { state, children: Vec::new() };
        }
        let color = if maximizing {
            Color::White
        } else {
            Color::Black
        };
        let moves = state.legal_moves(color);
        let mut children: Vec<(Position, Tree)> = Vec::new();
        let mut i: usize = 0;
        while i < moves.len()
            invariant
                state.wf(),
                depth >= 1,
                !is_terminal_spec(state@),
                moves@ == legal_moves_spec(state@, color),
                color == color_of_turn(maximizing),
                0 <= i <= moves@.len(),
                children@.len() == i,
                forall|j: int|
                    0 <= j < i ==> (#[trigger] children@[j]).0 == moves@[j] && tree_wf(
                        children@[j].1,
                        board_with(state@, moves@[j], color_of_turn(maximizing)),
                        (depth - 1) as nat,
                        !maximizing,
                    ),
            decreases moves@.len() - i,
        {
            proof {
                lemma_legal_moves_characterization(state@, color);
                assert(legal_moves_spec(state@, color).contains(moves@[i as int]));
                assert(crate::board::growable_pos(state@, moves@[i as int], color));
            }
            let child_state = state.with(moves[i], color);
            let child = Tree::build(child_state, depth - 1, !maximizing);
            children.push((moves[i], child));
            i = i + 1;
        }
        Tree { state, children }
    }

    /// Minimax over the materialized tree: identical to the direct
    /// `Node::minimax` of the position the tree was built from.
    pub fn minimax(&self, depth: u16, maximizing: bool) -> (r: i32)
        requires
            tree_wf(*self, self.state@, depth as nat, maximizing),
        ensures
            r as int == spec_minimax(self.state@, depth as nat, maximizing),
            -(CELL_COUNT as int) <= r as int <= CELL_COUNT as int,
        decreases depth,
    {
        if depth == 0 || self.children.len() == 0 {
            return self.state.evaluate();
        }
        let ghost b = self.state@;
        let ghost mvs = legal_moves_spec(b, color_of_turn(maximizing));
        let ghost cdepth = (depth - 1) as nat;
        let first = &self.children[0];
        proof {
            assert(tree_wf(
                self.children@[0].1,
                board_with(b, mvs[0], color_of_turn(maximizing)),
                cdepth,
                !maximizing,
            ));
            assert(self.children@[0].1.state@ == board_with(b, mvs[0], color_of_turn(maximizing)));
        }
        let mut best = first.1.minimax(depth - 1, !maximizing);
        let mut i: usize = 1;
        while i < self.children.len()
            invariant
                tree_wf(*self, self.state@, depth as nat, maximizing),
                b == self.state@,
                depth >= 1,
                !is_terminal_spec(b),
                mvs == legal_moves_spec(b, color_of_turn(maximizing)),
                self.children@.len() == mvs.len(),
                cdepth == (depth - 1) as nat,
                1 <= i <= self.children@.len(),
                -(CELL_COUNT as int) <= best as int <= CELL_COUNT as int,
                i < mvs.len() ==> better_of(
                    maximizing,
                    best as int,
                    minimax_best(b, mvs, i as int, cdepth, maximizing),
                ) == minimax_best(b, mvs, 0, cdepth, maximizing),
                i == mvs.len() ==> best as int == minimax_best(b, mvs, 0, cdepth, maximizing),
            decreases self.children@.len() - i,
        {
            let child = &self.children[i];
            proof {
                assert(tree_wf(
                    self.children@[i as int].1,
                    board_with(b, mvs[i as int], color_of_turn(maximizing)),
                    cdepth,
                    !maximizing,
                ));
                assert(self.children@[i as int].1.state@ == board_with(
                    b,
                    mvs[i as int],
                    color_of_turn(maximizing),
                ));
            }
            let v = child.1.minimax(depth - 1, !maximizing);
            if maximizing {
                if v > best {
                    best = v;
                }
            } else {
                if v < best {
                    best = v;
                }
            }
            i = i + 1;
        }
        best
    }

    /// Rank the root's children by their minimax value, stable-sorted
    /// descending, keeping the best five: exactly the ranking that the
    /// non-materialized search computes for the same position and depth.
    pub fn ranked_root_moves(&self, depth: u16) -> (r: Vec<(i32, Position)>)
        requires
            depth >= 1,
            tree_wf(*self, self.state@, depth as nat, true),
        ensures
            r@ == ranking_spec(self.state@, depth as nat),
    {
        let ghost b = self.state@;
        let ghost mvs = legal_moves_spec(b, Color::White);
        let mut scored: Vec<(i32, Position)> = Vec::new();
        let mut i: usize = 0;
        while i < self.children.len()
            invariant
                tree_wf(*self, self.state@, depth as nat, true),
                b == self.state@,
                depth >= 1,
                mvs == legal_moves_spec(b, Color::White),
                self.children@.len() == if depth == 0 || is_terminal_spec(b) {
                    0int
                } else {
                    mvs.len() as int
                },
                0 <= i <= self.children@.len(),
                scored@.len() == i,
                forall|j: int|
                    0 <= j < i ==> #[trigger] scored@[j] == (
                        spec_minimax(
                            board_with(b, mvs[j], Color::White),
                            (depth - 1) as nat,
                            false,
                        ) as i32,
                        mvs[j],
                    ),
            decreases self.children@.len() - i,
        {
            let child = &self.children[i];
            proof {
                assert(tree_wf(
                    self.children@[i as int].1,
                    board_with(b, mvs[i as int], Color::White),
                    (depth - 1) as nat,
                    false,
                ));
                assert(self.children@[i as int].1.state@ == board_with(
                    b,
                    mvs[i as int],
                    Color::White,
                ));
            }
            let v = child.1.minimax(depth - 1, false);
            scored.push((v, child.0));
            i = i + 1;
        }
        proof {
            lemma_scored_matches_root_scores(b, depth as nat);
            if !(is_terminal_spec(b)) {
                assert(scored@ =~= crate::rank::scored_moves_spec(b, depth as nat));
            } else {
                assert(mvs.len() == 0);
                assert(scored@ =~= crate::rank::scored_moves_spec(b, depth as nat));
            }
        }
        let ghost orig = scored@;
        crate::rank::par_sort_by_score_desc(&mut scored);
        proof {
            crate::rank::lemma_stable_reorder_is_stable_sort(orig, scored@);
        }
        let mut out: Vec<(i32, Position)> = Vec::new();
        let mut i2: usize = 0;
        while i2 < scored.len() && i2 < crate::rank::RANKED_MOVES
            invariant
                0 <= i2 <= scored@.len(),
                i2 <= crate::rank::RANKED_MOVES,
                out@ == scored@.take(i2 as int),
            decreases scored@.len() - i2,
        {
            out.push(scored[i2]);
            i2 = i2 + 1;
        }
        proof {
            assert(out@ =~= ranking_spec(b, depth as nat));
        }
        out
    }
}

/// A root score is the child's minimax value: the negamax form negated
/// into White's perspective is plain minimax with Black to move.
proof fn lemma_scored_matches_root_scores(b: Seq<Color>, depth: nat)
    requires
        crate::board::board_wf(b),
        depth >= 1,
    ensures
        forall|j: int|
            0 <= j < legal_moves_spec(b, Color::White).len() ==> crate::rank::root_score_spec(
                b,
                #[trigger] legal_moves_spec(b, Color::White)[j],
                depth,
            ) == spec_minimax(
                board_with(b, legal_moves_spec(b, Color::White)[j], Color::White),
                (depth - 1) as nat,
                false,
            ),
{
    let mvs = legal_moves_spec(b, Color::White);
    assert forall|j: int| 0 <= j < mvs.len() implies crate::rank::root_score_spec(
        b,
        #[trigger] mvs[j],
        depth,
    ) == spec_minimax(board_with(b, mvs[j], Color::White), (depth - 1) as nat, false) by {
        lemma_legal_moves_characterization(b, Color::White);
        assert(mvs.contains(mvs[j]));
        assert(crate::board::growable_pos(b, mvs[j], Color::White));
        assert(0 <= crate::board::pos_index(mvs[j]) < CELL_COUNT as int);
        lemma_negamax_minimax_agree(board_with(b, mvs[j], Color::White), (depth - 1) as nat, -1);
    };
}

} // verus!

//! Root move ranking: score each of White's legal root moves
//! independently, stable-sort the pairs descending by score, keep the best
//! five. The fan-out over root moves runs on a worker pool; because every
//! branch only reads the parent state and produces an owned derived state,
//! parallelism affects wall-clock time only, never the result. An
//! iterative-deepening driver reruns the ranking at growing depths under a
//! wall-clock budget checked only between depths.

use vstd::prelude::*;

use rayon::iter::IntoParallelRefIterator;
use rayon::iter::ParallelIterator;
use rayon::slice::ParallelSliceMut;

use crate::board::BOARD_SIZE;
use crate::board::CELL_COUNT;
use crate::board::Color;
use crate::board::Position;
use crate::board::board_with;
use crate::board::in_range;
use crate::board::legal_moves_spec;
use crate::board::lemma_legal_moves_characterization;
use crate::search::MAX_SCORE;
use crate::search::MIN_SCORE;
use crate::search::Node;
use crate::search::lemma_alphabeta_score_preserving;
use crate::search::lemma_negamax_bounds;
use crate::search::spec_negamax;

verus! {

/// How many ranked moves are reported at most.
pub const RANKED_MOVES: usize = 5;

/// White's score for opening with `m`: one ply is consumed by the move,
/// the remaining `depth - 1` plies are searched with Black to move, and
/// the negamax result is negated back into White's perspective.
pub open spec fn root_score_spec(b: Seq<Color>, m: Position, depth: nat) -> int {
    -spec_negamax(board_with(b, m, Color::White), (depth - 1) as nat, -1)
}

/// White's legal root moves paired with their scores, in move-generator
/// order.
pub open spec fn scored_moves_spec(b: Seq<Color>, depth: nat) -> Seq<(i32, Position)> {
    legal_moves_spec(b, Color::White).map(
        |i: int, m: Position| (root_score_spec(b, m, depth) as i32, m),
    )
}

/// Scores never increase along the sequence.
pub open spec fn sorted_desc(s: Seq<(i32, Position)>) -> bool {
    forall|i: int, j: int| 0 <= i < j < s.len() ==> s[i].0 >= s[j].0
}

pub open spec fn score_is(k: i32) -> spec_fn((i32, Position)) -> bool {
    |p: (i32, Position)| p.0 == k
}

/// The entries carrying score `k`, in order: the witness that a
/// reordering kept the relative order of equal scores.
pub open spec fn with_score(s: Seq<(i32, Position)>, k: i32) -> Seq<(i32, Position)> {
    s.filter(score_is(k))
}

/// `t` is the stable descending reordering of `s`: same length, sorted by
/// score, and for every score the entries keep their order in `s`.
pub open spec fn stable_desc_reorder(s: Seq<(i32, Position)>, t: Seq<(i32, Position)>) -> bool {
    &&& t.len() == s.len()
    &&& sorted_desc(t)
    &&& forall|k: i32| #[trigger] with_score(t, k) == with_score(s, k)
}

/// Insert `x` into the sorted sequence `t`, after every entry whose score
/// is at least `x`'s: where a stable sort puts an entry arriving after
/// all of `t`.
pub open spec fn insert_desc(t: Seq<(i32, Position)>, x: (i32, Position)) -> Seq<(i32, Position)>
    decreases t.len(),
{
    if t.len() == 0 {
        seq![x]
    } else if t.last().0 >= x.0 {
        t.push(x)
    } else {
        insert_desc(t.drop_last(), x).push(t.last())
    }
}

/// The stable descending sort of `s`, by insertion.
pub open spec fn stable_sort_desc(s: Seq<(i32, Position)>) -> Seq<(i32, Position)>
    decreases s.len(),
{
    if s.len() == 0 {
        Seq::empty()
    } else {
        insert_desc(stable_sort_desc(s.drop_last()), s.last())
    }
}

/// The ranked result: the stable descending sort of the scored root
/// moves, cut to the best `RANKED_MOVES`.
pub open spec fn ranking_spec(b: Seq<Color>, depth: nat) -> Seq<(i32, Position)> {
    let sorted = stable_sort_desc(scored_moves_spec(b, depth));
    sorted.take(
        if sorted.len() <= RANKED_MOVES {
            sorted.len() as int
        } else {
            RANKED_MOVES as int
        },
    )
}

proof fn lemma_insert_desc_len(t: Seq<(i32, Position)>, x: (i32, Position))
    ensures
        insert_desc(t, x).len() == t.len() + 1,
    decreases t.len(),
{
    if t.len() != 0 && !(t.last().0 >= x.0) {
        lemma_insert_desc_len(t.drop_last(), x);
    }
}

proof fn lemma_insert_desc_sorted(t: Seq<(i32, Position)>, x: (i32, Position))
    requires
        sorted_desc(t),
    ensures
        sorted_desc(insert_desc(t, x)),
        insert_desc(t, x).len() == t.len() + 1,
        forall|i: int|
            0 <= i < insert_desc(t, x).len() ==> (insert_desc(t, x)[i] == x || t.contains(
                insert_desc(t, x)[i],
            )),
    decreases t.len(),
{
    lemma_insert_desc_len(t, x);
    if t.len() == 0 {
    } else if t.last().0 >= x.0 {
        let u = t.push(x);
        assert forall|i: int, j: int| 0 <= i < j < u.len() implies u[i].0 >= u[j].0 by {
            if j < t.len() {
            } else {
                assert(u[j] == x);
                assert(u[i] == t[i]);
                assert(t[i].0 >= t[t.len() - 1].0);
            }
        };
        assert forall|i: int| 0 <= i < u.len() implies (u[i] == x || t.contains(u[i])) by {
            if i < t.len() {
                assert(t[i] == u[i]);
            }
        };
    } else {
        let t2 = t.drop_last();
        assert(sorted_desc(t2));
        lemma_insert_desc_sorted(t2, x);
        let v = insert_desc(t2, x);
        let u = v.push(t.last());
        assert(insert_desc(t, x) == u);
        assert forall|i: int, j: int| 0 <= i < j < u.len() implies u[i].0 >= u[j].0 by {
            if j < v.len() {
            } else {
                assert(u[j] == t.last());
                assert(u[i] == v[i]);
                if v[i] == x {
                    assert(x.0 > t.last().0);
                } else {
                    assert(t2.contains(v[i]));
                    let w = choose|w: int| 0 <= w < t2.len() && t2[w] == v[i];
                    assert(t[w].0 >= t[t.len() - 1].0);
                }
            }
        };
        assert forall|i: int| 0 <= i < u.len() implies (u[i] == x || t.contains(u[i])) by {
            if i < v.len() {
                if v[i] != x {
                    assert(t2.contains(v[i]));
                    let w = choose|w: int| 0 <= w < t2.len() && t2[w] == v[i];
                    assert(t[w] == t2[w]);
                }
            } else {
                assert(u[i] == t.last());
                assert(t[t.len() - 1] == t.last());
            }
        };
    }
}

proof fn lemma_insert_desc_filter(t: Seq<(i32, Position)>, x: (i32, Position), k: i32)
    ensures
        with_score(insert_desc(t, x), k) == if x.0 == k {
            with_score(t, k).push(x)
        } else {
            with_score(t, k)
        },
    decreases t.len(),
{
    reveal(Seq::filter);
    let pred = score_is(k);
    if t.len() == 0 {
        let s1 = seq![x];
        assert(s1.drop_last() =~= Seq::<(i32, Position)>::empty());
        assert(s1.last() == x);
        assert(with_score(t, k) =~= Seq::<(i32, Position)>::empty());
    } else if t.last().0 >= x.0 {
        let u = t.push(x);
        assert(u.drop_last() =~= t);
        assert(u.last() == x);
    } else {
        let t2 = t.drop_last();
        let v = insert_desc(t2, x);
        let u = v.push(t.last());
        lemma_insert_desc_filter(t2, x, k);
        assert(u.drop_last() =~= v);
        assert(u.last() == t.last());
        if x.0 == k {
            assert(!pred(t.last()));
            assert(with_score(u, k) == with_score(v, k));
            assert(with_score(t, k) == with_score(t2, k));
        } else {
            assert(with_score(v, k) == with_score(t2, k));
        }
    }
}

/// The insertion sort is a stable descending reordering of its input.
proof fn lemma_stable_sort_is_reorder(s: Seq<(i32, Position)>)
    ensures
        stable_desc_reorder(s, stable_sort_desc(s)),
    decreases s.len(),
{
    reveal(Seq::filter);
    if s.len() == 0 {
        assert forall|k: i32| #[trigger] with_score(stable_sort_desc(s), k) == with_score(
            s,
            k,
        ) by {
            assert(with_score(s, k) =~= Seq::<(i32, Position)>::empty());
        };
    } else {
        let s2 = s.drop_last();
        let x = s.last();
        lemma_stable_sort_is_reorder(s2);
        lemma_insert_desc_sorted(stable_sort_desc(s2), x);
        assert forall|k: i32| #[trigger] with_score(stable_sort_desc(s), k) == with_score(
            s,
            k,
        ) by {
            lemma_insert_desc_filter(stable_sort_desc(s2), x, k);
            assert(with_score(s, k) == if score_is(k)(x) {
                with_score(s2, k).push(x)
            } else {
                with_score(s2, k)
            });
        };
    }
}

proof fn lemma_filter_score_witness(t: Seq<(i32, Position)>, k: i32)
    requires
        with_score(t, k).len() > 0,
    ensures
        exists|j: int| 0 <= j < t.len() && t[j].0 == k,
    decreases t.len(),
{
    reveal(Seq::filter);
    if t.len() > 0 {
        if t.last().0 == k {
            assert(t[t.len() - 1].0 == k);
        } else {
            lemma_filter_score_witness(t.drop_last(), k);
            let j = choose|j: int| 0 <= j < t.drop_last().len() && t.drop_last()[j].0 == k;
            assert(t[j].0 == k);
        }
    }
}

/// Two sorted sequences whose equal-score subsequences coincide are equal:
/// a stable descending reordering is unique.
proof fn lemma_sorted_same_filters_equal(t1: Seq<(i32, Position)>, t2: Seq<(i32, Position)>)
    requires
        sorted_desc(t1),
        sorted_desc(t2),
        t1.len() == t2.len(),
        forall|k: i32| #[trigger] with_score(t1, k) == with_score(t2, k),
    ensures
        t1 == t2,
    decreases t1.len(),
{
    reveal(Seq::filter);
    if t1.len() == 0 {
        assert(t1 =~= t2);
    } else {
        let x = t1.last();
        let y = t2.last();
        let kx = x.0;
        let ky = y.0;
        assert(with_score(t1, kx) == with_score(t1.drop_last(), kx).push(x));
        assert(with_score(t2, ky) == with_score(t2.drop_last(), ky).push(y));
        assert(kx == ky) by {
            assert(with_score(t2, kx).len() > 0);
            lemma_filter_score_witness(t2, kx);
            let j = choose|j: int| 0 <= j < t2.len() && t2[j].0 == kx;
            assert(t2[j].0 >= t2[t2.len() - 1].0);
            assert(with_score(t1, ky).len() > 0);
            lemma_filter_score_witness(t1, ky);
            let i = choose|i: int| 0 <= i < t1.len() && t1[i].0 == ky;
            assert(t1[i].0 >= t1[t1.len() - 1].0);
        };
        assert(x == y) by {
            assert(with_score(t1, kx) == with_score(t2, kx));
            assert(with_score(t2, kx) == with_score(t2.drop_last(), kx).push(y));
            assert(with_score(t1.drop_last(), kx).push(x).last() == x);
            assert(with_score(t2.drop_last(), kx).push(y).last() == y);
        };
        assert forall|k: i32| #[trigger] with_score(t1.drop_last(), k) == with_score(
            t2.drop_last(),
            k,
        ) by {
            if k == kx {
                assert(with_score(t1.drop_last(), k).push(x) == with_score(
                    t2.drop_last(),
                    k,
                ).push(y));
                assert(with_score(t1.drop_last(), k).push(x).drop_last() =~= with_score(
                    t1.drop_last(),
                    k,
                ));
                assert(with_score(t2.drop_last(), k).push(y).drop_last() =~= with_score(
                    t2.drop_last(),
                    k,
                ));
            } else {
                assert(with_score(t1, k) == with_score(t1.drop_last(), k));
                assert(with_score(t2, k) == with_score(t2.drop_last(), k));
            }
        };
        assert(sorted_desc(t1.drop_last()));
        assert(sorted_desc(t2.drop_last()));
        lemma_sorted_same_filters_equal(t1.drop_last(), t2.drop_last());
        assert forall|i: int| 0 <= i < t1.len() implies t1[i] == t2[i] by {
            if i < t1.len() - 1 {
                assert(t1[i] == t1.drop_last()[i]);
                assert(t2[i] == t2.drop_last()[i]);
            } else {
                assert(t1[i] == x);
                assert(t2[i] == y);
            }
        };
        assert(t1 =~= t2);
    }
}

/// Any stable descending reordering of `s` is the insertion sort of `s`:
/// together with `lemma_stable_sort_is_reorder`, stability pins the
/// result down uniquely.
pub proof fn lemma_stable_reorder_is_stable_sort(s: Seq<(i32, Position)>, t: Seq<(i32, Position)>)
    requires
        stable_desc_reorder(s, t),
    ensures
        t == stable_sort_desc(s),
{
    lemma_stable_sort_is_reorder(s);
    lemma_sorted_same_filters_equal(t, stable_sort_desc(s));
}

/// Relies on rayon's `par_iter().map(..).collect()` over a vector: an
/// indexed parallel map collects its results in the source order, one
/// result per input move, regardless of worker count or completion order.
/// The closure only calls the verified `Node::root_score`.
#[verifier::external_body]
fn par_root_scores(node: &Node, moves: &Vec<Position>, depth: u16) -> (r: Vec<(i32, Position)>)
    requires
        node.wf(),
        depth >= 1,
        forall|i: int|
            0 <= i < moves@.len() ==> in_range(
                (#[trigger] moves@[i]).row as int,
                moves@[i].col as int,
            ),
    ensures
        r@.len() == moves@.len(),
        forall|i: int|
            0 <= i < moves@.len() ==> r@[i] == (
                root_score_spec(node@, moves@[i], depth as nat) as i32,
                moves@[i],
            ),
{
    moves.par_iter().map(|pos: &Position| (node.root_score(*pos, depth), *pos)).collect()
}

/// Relies on rayon's `par_sort_by`, a stable parallel sort: the result
/// holds the same entries ordered by the comparator — here descending by
/// score — and entries that compare equal keep their input order. Stated
/// as: same length, sorted, and per score the subsequence is unchanged.
#[verifier::external_body]
pub(crate) fn par_sort_by_score_desc(v: &mut Vec<(i32, Position)>)
    ensures
        stable_desc_reorder(old(v)@, final(v)@),
{
    v.par_sort_by(|a, b| b.0.cmp(&a.0));
}

/// Declares std::time::Instant: an opaque monotonic clock reading that
/// the wrappers below create and compare. Nothing is assumed of what is
/// inside a value of it.
#[verifier::external_type_specification]
#[verifier::external_body]
pub struct ExInstant(std::time::Instant);

/// Relies on std::time::Instant::now: an opaque monotonic time point.
/// Nothing is promised of the clock.
#[verifier::external_body]
fn instant_now() -> std::time::Instant {
    std::time::Instant::now()
}

/// Relies on Instant::elapsed and Duration::as_millis: wall-clock
/// milliseconds since `start`, saturated into `u64`. Nothing is promised
/// of the value.
#[verifier::external_body]
fn elapsed_millis(start: &std::time::Instant) -> u64 {
    start.elapsed().as_millis().try_into().unwrap_or(u64::MAX)
}

impl Node {
    /// White's score for opening with `pos`, searched with pruning; by
    /// `lemma_alphabeta_score_preserving` it equals the unpruned value.
    pub fn root_score(&self, pos: Position, depth: u16) -> (r: i32)
        requires
            self.wf(),
            depth >= 1,
            pos.row < BOARD_SIZE,
            pos.col < BOARD_SIZE,
        ensures
            r as int == root_score_spec(self@, pos, depth as nat),
            -(CELL_COUNT as int) <= r as int <= CELL_COUNT as int,
    {
        let child = self.with(pos, Color::White);
        let s = child.abnegamax(depth - 1, MIN_SCORE, MAX_SCORE, -1);
        proof {
            lemma_alphabeta_score_preserving(child@, (depth - 1) as nat, -1);
            lemma_negamax_bounds(child@, (depth - 1) as nat, -1);
        }
        -s
    }

    /// Rank White's root moves: score each legal root move independently
    /// to the remaining depth, stable-sort descending by score (ties keep
    /// move-generator order), and return the best `RANKED_MOVES` — fewer
    /// if fewer legal moves exist, an empty list on a terminal root. The
    /// result is a function of position and depth alone, however many
    /// workers evaluate the branches.
    pub fn get_optimal_moves(&self, depth: u16) -> (r: Vec<(i32, Position)>)
        requires
            self.wf(),
            depth >= 1,
        ensures
            r@ == ranking_spec(self@, depth as nat),
    {
        let moves = self.state.legal_moves(Color::White);
        proof {
            lemma_legal_moves_characterization(self@, Color::White);
            assert forall|i: int| 0 <= i < moves@.len() implies in_range(
                (#[trigger] moves@[i]).row as int,
                moves@[i].col as int,
            ) by {
                assert(legal_moves_spec(self@, Color::White).contains(moves@[i]));
            };
        }
        let mut scored = par_root_scores(self, &moves, depth);
        proof {
            assert(scored@ =~= scored_moves_spec(self@, depth as nat));
        }
        let ghost orig = scored@;
        par_sort_by_score_desc(&mut scored);
        proof {
            lemma_stable_reorder_is_stable_sort(orig, scored@);
        }
        let mut out: Vec<(i32, Position)> = Vec::new();
        let mut i: usize = 0;
        while i < scored.len() && i < RANKED_MOVES
            invariant
                0 <= i <= scored@.len(),
                i <= RANKED_MOVES,
                out@ == scored@.take(i as int),
            decreases scored@.len() - i,
        {
            out.push(scored[i]);
            i = i + 1;
        }
        proof {
            assert(out@ =~= ranking_spec(self@, depth as nat));
        }
        out
    }

    /// Iterative deepening: rerun the root ranking at depth 2, 3, 4, ...,
    /// replacing the previous result each time, until the wall-clock
    /// budget is exceeded. The budget is checked only between depths — a
    /// depth that starts runs to completion — and depth 2 always runs
    /// whatever the budget, so a ranking is always returned together with
    /// the deepest completed depth.
    pub fn get_optimal_moves_iterative_deepening(&self, budget_millis: u64) -> (r: (
        u16,
        Vec<(i32, Position)>,
    ))
        requires
            self.wf(),
        ensures
            r.0 >= 2,
            r.1@ == ranking_spec(self@, r.0 as nat),
    {
        let start = instant_now();
        let mut depth: u16 = 2;
        let mut moves = self.get_optimal_moves(depth);
        while depth < u16::MAX
            invariant
                self.wf(),
                2 <= depth,
                moves@ == ranking_spec(self@, depth as nat),
            ensures
                2 <= depth,
                moves@ == ranking_spec(self@, depth as nat),
            decreases u16::MAX - depth,
        {
            if elapsed_millis(&start) > budget_millis {
                break ;
            }
            depth = depth + 1;
            moves = self.get_optimal_moves(depth);
        }
        (depth, moves)
    }
}

} // verus!

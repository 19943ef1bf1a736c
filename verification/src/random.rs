//! Random positions for experimentation: a uniformly filled board, and
//! the alternating random opening used to seed search demonstrations.

use vstd::prelude::*;

use rand::Rng;

use crate::board::BOARD_SIZE;
use crate::board::CELL_COUNT;
use crate::board::Color;
use crate::board::Position;
use crate::board::State;
use crate::board::color_count;
use crate::board::in_range;
use crate::board::lemma_count_update;
use crate::board::lemma_empty_cells_characterization;
use crate::board::pos_index;
use crate::search::Node;

verus! {

/// Relies on rand::rngs::ThreadRng and Rng::gen_range over `0..n`: a
/// value uniformly drawn below `n`. Nothing but the range is promised;
/// `gen_range` panics on an empty range, so `n` must be positive.
#[verifier::external_body]
fn random_below(n: usize) -> (r: usize)
    requires
        n > 0,
    ensures
        r < n,
{
    rand::thread_rng().gen_range(0..n)
}

impl State {
    /// A board with every cell drawn independently and uniformly from the
    /// three colors. Only used by external experimentation, never by the
    /// search core; nothing beyond well-formedness can be promised of it.
    pub fn random_fill() -> (s: State)
        ensures
            s.wf(),
    {
        let mut s = State::new();
        let mut k: usize = 0;
        while k < CELL_COUNT
            invariant
                s.wf(),
                k <= CELL_COUNT,
            decreases CELL_COUNT - k,
        {
            let draw = random_below(3);
            let color = if draw == 0 {
                Color::Empty
            } else if draw == 1 {
                Color::White
            } else {
                Color::Black
            };
            s.place(Position { row: k / BOARD_SIZE, col: k % BOARD_SIZE }, color);
            k = k + 1;
        }
        s
    }
}

impl Node {
    /// A plausible mid-opening position: `BOARD_SIZE - 1` rounds of one
    /// White stone then one Black stone, each placed into a random empty
    /// cell, so each side owns exactly `BOARD_SIZE - 1` stones.
    pub fn random() -> (n: Node)
        ensures
            n.wf(),
            color_count(n@, Color::White) == BOARD_SIZE - 1,
            color_count(n@, Color::Black) == BOARD_SIZE - 1,
            color_count(n@, Color::Empty) == CELL_COUNT - 2 * (BOARD_SIZE - 1),
    {
        let mut s = State::new();
        proof {
            lemma_fresh_board_counts(s@, CELL_COUNT as int);
        }
        let mut round: usize = 0;
        while round < BOARD_SIZE - 1
            invariant
                s.wf(),
                round <= BOARD_SIZE - 1,
                color_count(s@, Color::White) == round,
                color_count(s@, Color::Black) == round,
                color_count(s@, Color::Empty) == CELL_COUNT - 2 * round,
            decreases BOARD_SIZE - round,
        {
            s = place_random(s, Color::White);
            s = place_random(s, Color::Black);
            round = round + 1;
        }
        Node { state: s }
    }
}

/// Place one `color` stone into a random empty cell. The board keeps its
/// shape, `color` gains exactly one stone, the other side keeps its count,
/// and one empty cell is consumed.
fn place_random(s: State, color: Color) -> (t: State)
    requires
        s.wf(),
        color != Color::Empty,
        color_count(s@, Color::Empty) > 0,
    ensures
        t.wf(),
        color_count(t@, color) == color_count(s@, color) + 1,
        color_count(t@, Color::Empty) == color_count(s@, Color::Empty) - 1,
        forall|c: Color|
            c != color && c != Color::Empty ==> color_count(t@, c) == color_count(s@, c),
{
    proof {
        lemma_empty_cells_characterization(s@);
    }
    let places = s.legal_empty_cells();
    let idx = random_below(places.len());
    let p = places[idx];
    proof {
        assert(in_range(p.row as int, p.col as int));
        assert(s@[pos_index(p)] == Color::Empty);
    }
    let mut t = s;
    t.place(p, color);
    proof {
        let j = pos_index(p);
        lemma_count_update(s@, j, color, color, CELL_COUNT as int);
        lemma_count_update(s@, j, color, Color::Empty, CELL_COUNT as int);
        lemma_count_update(s@, j, color, Color::White, CELL_COUNT as int);
        lemma_count_update(s@, j, color, Color::Black, CELL_COUNT as int);
    }
    t
}

/// Every count of the all-empty board: no stones, all cells empty.
proof fn lemma_fresh_board_counts(b: Seq<Color>, k: int)
    requires
        0 <= k <= CELL_COUNT,
        forall|i: int| 0 <= i < CELL_COUNT ==> b[i] == Color::Empty,
    ensures
        crate::board::count_upto(b, Color::Empty, k) == k,
        crate::board::count_upto(b, Color::White, k) == 0,
        crate::board::count_upto(b, Color::Black, k) == 0,
    decreases k,
{
    if k > 0 {
        lemma_fresh_board_counts(b, k - 1);
    }
}

} // verus!
